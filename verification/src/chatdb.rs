//! Conversation summaries: chats of the message store folded into one
//! entry per contact, sorted for display.
use vstd::prelude::*;
use crate::contacts::{first_match, opt_chars, present, Contact, ContactResolver, RecordKey};
use crate::keys::identifier_keys;
use crate::text::{lemma_seq_lt_irreflexive, lemma_seq_lt_total, lemma_seq_lt_transitive, seq_lt, str_lt, to_lowercase, unicode_lowercase};

verus! {

/// The fields of a chat of the message store that the summaries read.
pub struct ChatRecord {
    pub rowid: i32,
    pub chat_identifier: String,
    pub service_name: Option<String>,
    pub display_name: Option<String>,
}

/// One entry of the conversation list: an address-book record with all of its
/// chat identifiers, chat row ids and services, or a single chat.
#[derive(Debug, Clone)]
pub struct ConversationSummary {
    pub name: String,
    pub identifiers: Vec<String>,
    pub rowids: Vec<i32>,
    pub services: Vec<String>,
    pub resolved: bool,
}

/// A conversation summary as plain values.
pub struct SummaryView {
    pub name: Seq<char>,
    pub identifiers: Seq<Seq<char>>,
    pub rowids: Seq<i32>,
    pub services: Seq<Seq<char>>,
    pub resolved: bool,
}

impl View for ConversationSummary {
    type V = SummaryView;

    open spec fn view(&self) -> SummaryView {
        SummaryView {
            name: self.name@,
            identifiers: self.identifiers.deep_view(),
            rowids: self.rowids@,
            services: self.services.deep_view(),
            resolved: self.resolved,
        }
    }
}

/// `d` followed by each element of `s` that is not already there.
pub open spec fn with_new(d: Seq<Seq<char>>, s: Seq<Seq<char>>) -> Seq<Seq<char>>
    decreases s.len(),
{
    if s.len() == 0 {
        d
    } else {
        let p = with_new(d, s.drop_last());
        if p.contains(s.last()) { p } else { p.push(s.last()) }
    }
}

/// `dst` with the identifiers, row ids and new services of `src` appended.
pub open spec fn merged(dst: SummaryView, src: SummaryView) -> SummaryView {
    SummaryView {
        name: dst.name,
        identifiers: dst.identifiers + src.identifiers,
        rowids: dst.rowids + src.rowids,
        services: with_new(dst.services, src.services),
        resolved: dst.resolved,
    }
}

fn contains_string(v: &Vec<String>, s: &String) -> (r: bool)
    ensures
        r == v.deep_view().contains(s@),
{
    let mut i: usize = 0;
    while i < v.len()
        invariant
            i <= v@.len(),
            forall|j: int| 0 <= j < i ==> v@[j]@ != s@,
        decreases v@.len() - i,
    {
        if v[i] == *s {
            assert(v.deep_view()[i as int] == s@);
            return true;
        }
        i = i + 1;
    }
    assert forall|j: int| 0 <= j < v.deep_view().len() implies v.deep_view()[j] != s@ by {
        assert(v.deep_view()[j] == v@[j]@);
    }
    false
}

/// Appends the identifiers and row ids of `src` to `dst`, and those of its
/// services that `dst` lacks.
pub fn merge_into(dst: &mut ConversationSummary, src: &ConversationSummary)
    ensures
        final(dst)@ == merged(old(dst)@, src@),
{
    let ghost ids0 = dst.identifiers.deep_view();
    let ghost rows0 = dst.rowids@;
    let ghost svc0 = dst.services.deep_view();
    let mut i: usize = 0;
    assert(ids0 + src.identifiers.deep_view().take(0) =~= ids0);
    while i < src.identifiers.len()
        invariant
            i <= src.identifiers@.len(),
            dst.identifiers.deep_view() == ids0 + src.identifiers.deep_view().take(i as int),
            dst.rowids@ == rows0,
            dst.services.deep_view() == svc0,
            dst.name == old(dst).name,
            dst.resolved == old(dst).resolved,
        decreases src.identifiers@.len() - i,
    {
        let ghost before = dst.identifiers.deep_view();
        dst.identifiers.push(src.identifiers[i].clone());
        assert(dst.identifiers.deep_view() =~= before.push(src.identifiers@[i as int]@));
        assert(src.identifiers.deep_view().take(i + 1) =~= src.identifiers.deep_view().take(i as int).push(src.identifiers@[i as int]@));
        assert(dst.identifiers.deep_view() =~= ids0 + src.identifiers.deep_view().take(i + 1));
        i = i + 1;
    }
    assert(src.identifiers.deep_view().take(src.identifiers@.len() as int) =~= src.identifiers.deep_view());
    let mut i: usize = 0;
    assert(rows0 + src.rowids@.take(0) =~= rows0);
    while i < src.rowids.len()
        invariant
            i <= src.rowids@.len(),
            dst.rowids@ == rows0 + src.rowids@.take(i as int),
            dst.identifiers.deep_view() == ids0 + src.identifiers.deep_view(),
            dst.services.deep_view() == svc0,
            dst.name == old(dst).name,
            dst.resolved == old(dst).resolved,
        decreases src.rowids@.len() - i,
    {
        dst.rowids.push(src.rowids[i]);
        assert(dst.rowids@ =~= rows0 + src.rowids@.take(i + 1));
        i = i + 1;
    }
    assert(src.rowids@.take(src.rowids@.len() as int) =~= src.rowids@);
    let mut i: usize = 0;
    assert(src.services.deep_view().take(0) =~= Seq::<Seq<char>>::empty());
    while i < src.services.len()
        invariant
            i <= src.services@.len(),
            dst.services.deep_view() == with_new(svc0, src.services.deep_view().take(i as int)),
            dst.identifiers.deep_view() == ids0 + src.identifiers.deep_view(),
            dst.rowids@ == rows0 + src.rowids@,
            dst.name == old(dst).name,
            dst.resolved == old(dst).resolved,
        decreases src.services@.len() - i,
    {
        let ghost pre = src.services.deep_view().take(i as int);
        assert(src.services.deep_view().take(i + 1).drop_last() =~= pre);
        assert(src.services.deep_view().take(i + 1).last() == src.services@[i as int]@);
        if !contains_string(&dst.services, &src.services[i]) {
            dst.services.push(src.services[i].clone());
            assert(dst.services.deep_view() =~= with_new(svc0, pre).push(src.services@[i as int]@));
        }
        i = i + 1;
    }
    assert(src.services.deep_view().take(src.services@.len() as int) =~= src.services.deep_view());
}

/// What `Chat::display_name` gives for a stored display name: the name when
/// it is not empty.
#[verifier::external_body]
fn chat_display_name(display_name: &Option<String>) -> (r: Option<String>)
    ensures
        opt_chars(r) == present(opt_chars(*display_name)),
{
    let chat = imessage_database::tables::chat::Chat {
        rowid: 0,
        chat_identifier: String::new(),
        service_name: None,
        display_name: display_name.clone(),
        is_filtered: None,
        is_blackholed: None,
        is_pending_review: None,
    };
    chat.display_name().map(String::from)
}

/// The service of a chat, "Unknown" when the store has none.
pub open spec fn service_of(c: ChatRecord) -> Seq<char> {
    match c.service_name {
        Some(s) => s@,
        None => "Unknown"@,
    }
}

/// The contact a chat is filed under: the address-book contact its
/// identifier resolves to, when the chat has no display name of its own.
pub open spec fn contact_of(c: ChatRecord, contacts: Map<Seq<char>, Contact>) -> Option<Contact> {
    if present(opt_chars(c.display_name)) is Some {
        None
    } else {
        first_match(contacts, identifier_keys(c.chat_identifier@))
    }
}

/// The address-book record a chat is filed under (see [`contact_of`]).
/// Chats are grouped by record, so two records that happen to have the same
/// display name keep separate summaries.
pub open spec fn record_of(c: ChatRecord, contacts: Map<Seq<char>, Contact>) -> Option<RecordKey> {
    match contact_of(c, contacts) {
        Some(contact) => Some(contact.1),
        None => None,
    }
}

/// The list entry of a single chat: named by its display name, else by its
/// contact, else by its identifier (and then unresolved).
pub open spec fn entry_of(c: ChatRecord, contacts: Map<Seq<char>, Contact>) -> SummaryView {
    let display = present(opt_chars(c.display_name));
    let contact = contact_of(c, contacts);
    SummaryView {
        name: match display {
            Some(n) => n,
            None => match contact {
                Some(found) => found.0,
                None => c.chat_identifier@,
            },
        },
        identifiers: seq![c.chat_identifier@],
        rowids: seq![c.rowid],
        services: seq![service_of(c)],
        resolved: display is Some || contact is Some,
    }
}

/// The list entry of one chat (see [`entry_of`]) and the record it is filed
/// under (see [`record_of`]).
pub fn conversation_entry(chat: &ChatRecord, contacts: &ContactResolver) -> (r: (ConversationSummary, Option<(usize, i64)>))
    ensures
        r.0@ == entry_of(*chat, contacts@),
        r.1 == record_of(*chat, contacts@),
{
    let display = chat_display_name(&chat.display_name);
    let contact_ref = if display.is_none() {
        contacts.lookup_contact(chat.chat_identifier.as_str())
    } else {
        None
    };
    let service = match &chat.service_name {
        Some(s) => s.clone(),
        None => String::from_str("Unknown"),
    };
    let (name, resolved, record) = match (&display, &contact_ref) {
        (Some(n), _) => (n.clone(), true, None),
        (None, Some(cr)) => (cr.name.clone(), true, Some((cr.source, cr.record))),
        (None, None) => (chat.chat_identifier.clone(), false, None),
    };
    let mut identifiers: Vec<String> = Vec::new();
    identifiers.push(chat.chat_identifier.clone());
    let mut rowids: Vec<i32> = Vec::new();
    rowids.push(chat.rowid);
    let mut services: Vec<String> = Vec::new();
    services.push(service);
    let entry = ConversationSummary { name, identifiers, rowids, services, resolved };
    assert(entry@.identifiers =~= seq![chat.chat_identifier@]);
    assert(entry@.rowids =~= seq![chat.rowid]);
    assert(entry@.services =~= seq![service_of(*chat)]);
    (entry, record)
}

/// `out` keeps, of the chats `chats`, one per identifier: the one with the
/// highest row id. The message store gives each chat its own row id; should
/// two chats share an identifier and the highest row id, either may be kept
/// (see [`lemma_latest_unique`] for distinct row ids).
pub open spec fn latest_of(chats: Seq<ChatRecord>, out: Seq<ChatRecord>) -> bool {
    &&& forall|i: int, j: int| 0 <= i < j < out.len() ==> out[i].chat_identifier@ != out[j].chat_identifier@
    &&& forall|j: int| 0 <= j < out.len() ==> chats.contains(#[trigger] out[j])
    &&& forall|i: int| 0 <= i < chats.len() ==> #[trigger] covered(out, chats[i])
}

/// Some chat of `out` has the identifier of `c` and a row id no lower.
pub open spec fn covered(out: Seq<ChatRecord>, c: ChatRecord) -> bool {
    exists|j: int| 0 <= j < out.len() && out[j].chat_identifier@ == c.chat_identifier@ && out[j].rowid >= c.rowid
}

impl ChatRecord {
    fn copy(&self) -> (r: ChatRecord)
        ensures
            r == *self,
    {
        ChatRecord {
            rowid: self.rowid,
            chat_identifier: self.chat_identifier.clone(),
            service_name: match &self.service_name {
                Some(s) => Some(s.clone()),
                None => None,
            },
            display_name: match &self.display_name {
                Some(s) => Some(s.clone()),
                None => None,
            },
        }
    }
}

fn find_chat(out: &Vec<ChatRecord>, id: &String) -> (r: Option<usize>)
    ensures
        match r {
            Some(j) => j < out@.len() && out@[j as int].chat_identifier@ == id@,
            None => forall|k: int| 0 <= k < out@.len() ==> out@[k].chat_identifier@ != id@,
        },
{
    let mut j: usize = 0;
    while j < out.len()
        invariant
            j <= out@.len(),
            forall|k: int| 0 <= k < j ==> out@[k].chat_identifier@ != id@,
        decreases out@.len() - j,
    {
        if out[j].chat_identifier == *id {
            return Some(j);
        }
        j = j + 1;
    }
    None
}

proof fn lemma_latest_replace(pre: Seq<ChatRecord>, c: ChatRecord, before: Seq<ChatRecord>, j: int)
    requires
        latest_of(pre, before),
        0 <= j < before.len(),
        before[j].chat_identifier@ == c.chat_identifier@,
        before[j].rowid < c.rowid,
    ensures
        latest_of(pre.push(c), before.update(j, c)),
{
    let now = pre.push(c);
    let out = before.update(j, c);
    assert forall|a: int, b: int| 0 <= a < b < out.len() implies out[a].chat_identifier@ != out[b].chat_identifier@ by {
        assert(a != j ==> out[a] == before[a]);
        assert(b != j ==> out[b] == before[b]);
    }
    assert forall|k: int| 0 <= k < out.len() implies now.contains(#[trigger] out[k]) by {
        if k == j {
            assert(now[pre.len() as int] == out[k]);
        } else {
            let w = choose|w: int| 0 <= w < pre.len() && pre[w] == before[k];
            assert(now[w] == before[k]);
        }
    }
    assert forall|w: int| 0 <= w < now.len() implies #[trigger] covered(out, now[w]) by {
        if w < pre.len() {
            assert(now[w] == pre[w]);
            assert(covered(before, pre[w]));
            let k = choose|k: int|
                0 <= k < before.len() && before[k].chat_identifier@ == pre[w].chat_identifier@
                && before[k].rowid >= pre[w].rowid;
            assert(out[k].chat_identifier@ == now[w].chat_identifier@ && out[k].rowid >= now[w].rowid);
        } else {
            assert(out[j].chat_identifier@ == now[w].chat_identifier@);
        }
    }
}

proof fn lemma_latest_keep(pre: Seq<ChatRecord>, c: ChatRecord, before: Seq<ChatRecord>, j: int)
    requires
        latest_of(pre, before),
        0 <= j < before.len(),
        before[j].chat_identifier@ == c.chat_identifier@,
        before[j].rowid >= c.rowid,
    ensures
        latest_of(pre.push(c), before),
{
    let now = pre.push(c);
    assert forall|k: int| 0 <= k < before.len() implies now.contains(#[trigger] before[k]) by {
        let w = choose|w: int| 0 <= w < pre.len() && pre[w] == before[k];
        assert(now[w] == before[k]);
    }
    assert forall|w: int| 0 <= w < now.len() implies #[trigger] covered(before, now[w]) by {
        if w < pre.len() {
            assert(now[w] == pre[w]);
            assert(covered(before, pre[w]));
            let k = choose|k: int|
                0 <= k < before.len() && before[k].chat_identifier@ == pre[w].chat_identifier@
                && before[k].rowid >= pre[w].rowid;
            assert(before[k].chat_identifier@ == now[w].chat_identifier@ && before[k].rowid >= now[w].rowid);
        } else {
            assert(before[j].chat_identifier@ == now[w].chat_identifier@);
        }
    }
}

proof fn lemma_latest_new(pre: Seq<ChatRecord>, c: ChatRecord, before: Seq<ChatRecord>)
    requires
        latest_of(pre, before),
        forall|k: int| 0 <= k < before.len() ==> before[k].chat_identifier@ != c.chat_identifier@,
    ensures
        latest_of(pre.push(c), before.push(c)),
{
    let now = pre.push(c);
    let out = before.push(c);
    assert forall|a: int, b: int| 0 <= a < b < out.len() implies out[a].chat_identifier@ != out[b].chat_identifier@ by {
        assert(out[a] == before[a]);
        assert(b < before.len() ==> out[b] == before[b]);
    }
    assert forall|k: int| 0 <= k < out.len() implies now.contains(#[trigger] out[k]) by {
        if k == before.len() {
            assert(now[pre.len() as int] == out[k]);
        } else {
            let w = choose|w: int| 0 <= w < pre.len() && pre[w] == before[k];
            assert(now[w] == out[k]);
        }
    }
    assert forall|w: int| 0 <= w < now.len() implies #[trigger] covered(out, now[w]) by {
        if w < pre.len() {
            assert(now[w] == pre[w]);
            assert(covered(before, pre[w]));
            let k = choose|k: int|
                0 <= k < before.len() && before[k].chat_identifier@ == pre[w].chat_identifier@
                && before[k].rowid >= pre[w].rowid;
            assert(out[k] == before[k]);
        } else {
            assert(out[before.len() as int] == now[w]);
        }
    }
}

/// Of the chats sharing an identifier, only the one with the highest row id
/// stays (see [`latest_of`]); the others are duplicates left by migrations.
pub fn latest_per_identifier(chats: &Vec<ChatRecord>) -> (out: Vec<ChatRecord>)
    ensures
        latest_of(chats@, out@),
{
    let mut out: Vec<ChatRecord> = Vec::new();
    let mut i: usize = 0;
    while i < chats.len()
        invariant
            i <= chats@.len(),
            latest_of(chats@.take(i as int), out@),
        decreases chats@.len() - i,
    {
        let c = &chats[i];
        let ghost pre = chats@.take(i as int);
        let ghost before = out@;
        assert(chats@.take(i + 1) =~= pre.push(*c));
        match find_chat(&out, &c.chat_identifier) {
            Some(j) => {
                if out[j].rowid < c.rowid {
                    out.set(j, c.copy());
                    proof { lemma_latest_replace(pre, *c, before, j as int); }
                } else {
                    proof { lemma_latest_keep(pre, *c, before, j as int); }
                }
            },
            None => {
                out.push(c.copy());
                proof { lemma_latest_new(pre, *c, before); }
            },
        }
        i = i + 1;
    }
    assert(chats@.take(chats@.len() as int) =~= chats@);
    out
}

/// List entries as plain values, each with the record it is filed under.
pub open spec fn entry_views(es: Seq<(ConversationSummary, Option<RecordKey>)>) -> Seq<(SummaryView, Option<RecordKey>)> {
    es.map_values(|e: (ConversationSummary, Option<RecordKey>)| (e.0@, e.1))
}

/// The records of the entries `es`, each once, in order of first appearance.
pub open spec fn group_keys(es: Seq<(SummaryView, Option<RecordKey>)>) -> Seq<RecordKey>
    decreases es.len(),
{
    if es.len() == 0 {
        Seq::empty()
    } else {
        let p = group_keys(es.drop_last());
        match es.last().1 {
            Some(k) => if p.contains(k) { p } else { p.push(k) },
            None => p,
        }
    }
}

pub open spec fn empty_summary() -> SummaryView {
    SummaryView {
        name: Seq::empty(),
        identifiers: Seq::empty(),
        rowids: Seq::empty(),
        services: Seq::empty(),
        resolved: false,
    }
}

/// The summary of record `k`: its first entry with each later one merged
/// into it, in order.
pub open spec fn group_value(es: Seq<(SummaryView, Option<RecordKey>)>, k: RecordKey) -> SummaryView
    decreases es.len(),
{
    if es.len() == 0 {
        empty_summary()
    } else {
        let p = group_value(es.drop_last(), k);
        if es.last().1 == Some(k) {
            if group_keys(es.drop_last()).contains(k) { merged(p, es.last().0) } else { es.last().0 }
        } else {
            p
        }
    }
}

/// The entries filed under no record, in order.
pub open spec fn singles(es: Seq<(SummaryView, Option<RecordKey>)>) -> Seq<SummaryView>
    decreases es.len(),
{
    if es.len() == 0 {
        Seq::empty()
    } else {
        let p = singles(es.drop_last());
        match es.last().1 {
            Some(_) => p,
            None => p.push(es.last().0),
        }
    }
}

/// One summary per record, in order of first appearance, then the entries
/// filed under no record.
pub open spec fn grouped(es: Seq<(SummaryView, Option<RecordKey>)>) -> Seq<SummaryView> {
    group_keys(es).map_values(|k: RecordKey| group_value(es, k)) + singles(es)
}

pub open spec fn summary_views(s: Seq<ConversationSummary>) -> Seq<SummaryView> {
    s.map_values(|c: ConversationSummary| c@)
}

proof fn lemma_group_keys_distinct(es: Seq<(SummaryView, Option<RecordKey>)>)
    ensures
        group_keys(es).no_duplicates(),
    decreases es.len(),
{
    if es.len() > 0 {
        lemma_group_keys_distinct(es.drop_last());
    }
}

fn find_key(keys: &Vec<(usize, i64)>, k: &(usize, i64)) -> (r: Option<usize>)
    ensures
        match r {
            Some(j) => j < keys@.len() && keys@[j as int] == *k,
            None => forall|i: int| 0 <= i < keys@.len() ==> keys@[i] != *k,
        },
{
    let mut j: usize = 0;
    while j < keys.len()
        invariant
            j <= keys@.len(),
            forall|i: int| 0 <= i < j ==> keys@[i] != *k,
        decreases keys@.len() - j,
    {
        if keys[j].0 == k.0 && keys[j].1 == k.1 {
            return Some(j);
        }
        j = j + 1;
    }
    None
}

/// Folds the entries into one summary per record (see [`grouped`]).
pub fn group_entries(entries: Vec<(ConversationSummary, Option<RecordKey>)>) -> (r: Vec<ConversationSummary>)
    ensures
        summary_views(r@) == grouped(entry_views(entries@)),
{
    let ghost all = entry_views(entries@);
    let total: usize = entries.len();
    assert(all.len() == total);
    let mut rest = entries;
    let mut keys: Vec<(usize, i64)> = Vec::new();
    let mut sums: Vec<ConversationSummary> = Vec::new();
    let mut single: Vec<ConversationSummary> = Vec::new();
    let mut n: usize = 0;
    assert(all.take(0) =~= Seq::<(SummaryView, Option<RecordKey>)>::empty());
    while rest.len() > 0
        invariant
            n + rest@.len() == all.len(),
            all.len() <= usize::MAX,
            entry_views(rest@) == all.skip(n as int),
            keys@.len() == sums@.len(),
            keys@ == group_keys(all.take(n as int)),
            forall|i: int| 0 <= i < sums@.len() ==> #[trigger] sums@[i]@ == group_value(all.take(n as int), keys@[i]),
            summary_views(single@) == singles(all.take(n as int)),
        decreases rest@.len(),
    {
        let ghost pre = all.take(n as int);
        let ghost now = all.take(n + 1);
        let ghost e = all[n as int];
        assert(entry_views(rest@)[0] == e);
        assert(now.drop_last() =~= pre);
        assert(now.last() == e);
        let ghost old_keys = keys@;
        let ghost old_sums = sums@;
        proof { lemma_group_keys_distinct(pre); }
        let ghost old_rest = rest@;
        let (entry, key) = rest.remove(0);
        assert(rest@ =~= old_rest.drop_first());
        assert(entry_views(rest@) =~= entry_views(old_rest).drop_first());
        assert(entry_views(rest@) =~= all.skip(n + 1));
        match key {
            Some(k) => {
                match find_key(&keys, &k) {
                    Some(j) => {
                        assert(old_keys[j as int] == k);
                        merge_into(&mut sums[j], &entry);
                        assert(group_keys(now) == old_keys);
                        assert forall|i: int| 0 <= i < sums@.len() implies #[trigger] sums@[i]@ == group_value(now, keys@[i]) by {
                            assert(old_keys[i] == keys@[i]);
                            if i != j {
                                assert(sums@[i] == old_sums[i]);
                                assert(old_keys[i] != old_keys[j as int]);
                            }
                        }
                    },
                    None => {
                        assert(!old_keys.contains(k)) by {
                            if old_keys.contains(k) {
                                let w = choose|w: int| 0 <= w < old_keys.len() && old_keys[w] == k;
                                assert(keys@[w] == k);
                            }
                        }
                        keys.push(k);
                        sums.push(entry);
                        assert(keys@ =~= old_keys.push(e.1->Some_0));
                        assert forall|i: int| 0 <= i < sums@.len() implies #[trigger] sums@[i]@ == group_value(now, keys@[i]) by {
                            if i < old_sums.len() {
                                assert(sums@[i] == old_sums[i]);
                                assert(keys@[i] == old_keys[i]);
                                assert(old_keys.contains(old_keys[i]));
                            }
                        }
                    },
                }
            },
            None => {
                single.push(entry);
                assert(summary_views(single@) =~= singles(pre).push(e.0));
                assert forall|i: int| 0 <= i < sums@.len() implies #[trigger] sums@[i]@ == group_value(now, keys@[i]) by {
                    assert(sums@[i]@ == group_value(pre, keys@[i]));
                }
            },
        }
        n = n + 1;
    }
    let ghost groups = sums@;
    assert(all.take(n as int) =~= all);
    sums.append(&mut single);
    assert(summary_views(sums@) =~= grouped(all)) by {
        assert(group_keys(all).len() == groups.len());
        assert forall|i: int| 0 <= i < groups.len() implies summary_views(sums@)[i] == grouped(all)[i] by {
        }
    }
    sums
}

proof fn lemma_push_contains<A>(s: Seq<A>, x: A, y: A)
    ensures
        s.push(x).contains(y) <==> (s.contains(y) || y == x),
{
    if s.push(x).contains(y) {
        let w = choose|w: int| 0 <= w < s.push(x).len() && s.push(x)[w] == y;
        if w < s.len() {
            assert(s[w] == y);
        }
    }
    if s.contains(y) {
        let w = choose|w: int| 0 <= w < s.len() && s[w] == y;
        assert(s.push(x)[w] == y);
    }
    if y == x {
        assert(s.push(x)[s.len() as int] == y);
    }
}

/// Row ids in strictly increasing order.
pub open spec fn increasing_rowids(s: Seq<i32>) -> bool {
    forall|i: int, j: int| 0 <= i < j < s.len() ==> s[i] < s[j]
}

/// Strings in strictly increasing order.
pub open spec fn increasing_strings(s: Seq<Seq<char>>) -> bool {
    forall|i: int, j: int| 0 <= i < j < s.len() ==> seq_lt(s[i], s[j])
}

/// The row ids of `v`, sorted, each once.
pub fn sorted_distinct_rowids(v: &Vec<i32>) -> (r: Vec<i32>)
    ensures
        increasing_rowids(r@),
        forall|x: i32| r@.contains(x) <==> v@.contains(x),
{
    let mut r: Vec<i32> = Vec::new();
    let mut i: usize = 0;
    while i < v.len()
        invariant
            i <= v@.len(),
            increasing_rowids(r@),
            forall|x: i32| r@.contains(x) <==> v@.take(i as int).contains(x),
        decreases v@.len() - i,
    {
        let x: i32 = v[i];
        let ghost before = r@;
        assert(v@.take(i + 1) =~= v@.take(i as int).push(x));
        let mut p: usize = 0;
        while p < r.len() && r[p] < x
            invariant
                p <= r@.len(),
                r@ == before,
                forall|q: int| 0 <= q < p ==> r@[q] < x,
            decreases r@.len() - p,
        {
            p = p + 1;
        }
        if p < r.len() && r[p] == x {
            assert forall|y: i32| r@.contains(y) <==> v@.take(i + 1).contains(y) by {
                if y == x {
                    assert(r@[p as int] == y);
                }
                lemma_push_contains(v@.take(i as int), x, y);
            }
        } else {
            r.insert(p, x);
            assert(r@ =~= before.insert(p as int, x));
            assert forall|a: int, b: int| 0 <= a < b < r@.len() implies r@[a] < r@[b] by {
                if b < p {
                } else if b == p {
                } else if a < p {
                    assert(r@[b] == before[b - 1]);
                    assert(before[b - 1] >= before[p as int]);
                } else if a == p {
                    assert(r@[b] == before[b - 1]);
                    assert(before[b - 1] >= before[p as int]);
                } else {
                    assert(r@[a] == before[a - 1]);
                    assert(r@[b] == before[b - 1]);
                }
            }
            assert forall|y: i32| r@.contains(y) <==> v@.take(i + 1).contains(y) by {
                lemma_push_contains(v@.take(i as int), x, y);
                if r@.contains(y) {
                    let w = choose|w: int| 0 <= w < r@.len() && r@[w] == y;
                    if w < p {
                        assert(before[w] == y);
                    } else if w > p {
                        assert(before[w - 1] == y);
                    }
                }
                if before.contains(y) {
                    let w = choose|w: int| 0 <= w < before.len() && before[w] == y;
                    if w < p {
                        assert(r@[w] == y);
                    } else {
                        assert(r@[w + 1] == y);
                    }
                }
                if y == x {
                    assert(r@[p as int] == y);
                }
            }
        }
        i = i + 1;
    }
    assert(v@.take(v@.len() as int) =~= v@);
    r
}

/// The strings of `v`, sorted, each once.
pub fn sorted_distinct_strings(v: &Vec<String>) -> (r: Vec<String>)
    ensures
        increasing_strings(r.deep_view()),
        forall|x: Seq<char>| r.deep_view().contains(x) <==> v.deep_view().contains(x),
{
    let ghost all = v.deep_view();
    let mut r: Vec<String> = Vec::new();
    let mut i: usize = 0;
    assert(r.deep_view() =~= Seq::<Seq<char>>::empty());
    while i < v.len()
        invariant
            i <= v@.len(),
            all == v.deep_view(),
            increasing_strings(r.deep_view()),
            forall|x: Seq<char>| r.deep_view().contains(x) <==> all.take(i as int).contains(x),
        decreases v@.len() - i,
    {
        let x = &v[i];
        let ghost before = r.deep_view();
        let ghost xv = x@;
        assert(all[i as int] == xv);
        assert(all.take(i + 1) =~= all.take(i as int).push(xv));
        let mut p: usize = 0;
        while p < r.len() && str_lt(r[p].as_str(), x.as_str())
            invariant
                p <= r@.len(),
                r.deep_view() == before,
                xv == x@,
                forall|q: int| 0 <= q < p ==> seq_lt(before[q], xv),
            decreases r@.len() - p,
        {
            assert(before[p as int] == r@[p as int]@);
            p = p + 1;
        }
        if p < r.len() && r[p] == *x {
            assert(before[p as int] == xv);
            assert forall|y: Seq<char>| r.deep_view().contains(y) <==> all.take(i + 1).contains(y) by {
                lemma_push_contains(all.take(i as int), xv, y);
            }
        } else {
            if p < r.len() {
                assert(before[p as int] == r@[p as int]@);
                assert(!seq_lt(before[p as int], xv));
                assert(before[p as int] != xv);
                proof { lemma_seq_lt_total(before[p as int], xv); }
            }
            r.insert(p, x.clone());
            assert(r.deep_view() =~= before.insert(p as int, xv));
            let ghost now = r.deep_view();
            assert forall|a: int, b: int| 0 <= a < b < now.len() implies seq_lt(now[a], now[b]) by {
                if b < p {
                } else if b == p {
                } else if a < p {
                    assert(now[b] == before[b - 1]);
                    if b - 1 > p {
                        lemma_seq_lt_transitive(xv, before[p as int], before[b - 1]);
                    }
                    lemma_seq_lt_transitive(before[a], xv, before[b - 1]);
                } else if a == p {
                    assert(now[b] == before[b - 1]);
                    if b - 1 > p {
                        lemma_seq_lt_transitive(xv, before[p as int], before[b - 1]);
                    }
                } else {
                    assert(now[a] == before[a - 1]);
                    assert(now[b] == before[b - 1]);
                }
            }
            assert forall|y: Seq<char>| now.contains(y) <==> all.take(i + 1).contains(y) by {
                lemma_push_contains(all.take(i as int), xv, y);
                if now.contains(y) {
                    let w = choose|w: int| 0 <= w < now.len() && now[w] == y;
                    if w < p {
                        assert(before[w] == y);
                    } else if w > p {
                        assert(before[w - 1] == y);
                    }
                }
                if before.contains(y) {
                    let w = choose|w: int| 0 <= w < before.len() && before[w] == y;
                    if w < p {
                        assert(now[w] == y);
                    } else {
                        assert(now[w + 1] == y);
                    }
                }
                if y == xv {
                    assert(now[p as int] == y);
                }
            }
        }
        i = i + 1;
    }
    assert(all.take(all.len() as int) =~= all);
    r
}

/// `b` is `a` with its identifiers and row ids sorted and each kept once.
pub open spec fn normalized(a: SummaryView, b: SummaryView) -> bool {
    &&& b.name == a.name
    &&& b.services == a.services
    &&& b.resolved == a.resolved
    &&& increasing_strings(b.identifiers)
    &&& forall|x: Seq<char>| b.identifiers.contains(x) <==> a.identifiers.contains(x)
    &&& increasing_rowids(b.rowids)
    &&& forall|x: i32| b.rowids.contains(x) <==> a.rowids.contains(x)
}

/// Sorts the identifiers and row ids of a summary and drops repeats.
pub fn normalize_summary(s: ConversationSummary) -> (r: ConversationSummary)
    ensures
        normalized(s@, r@),
{
    let identifiers = sorted_distinct_strings(&s.identifiers);
    let rowids = sorted_distinct_rowids(&s.rowids);
    ConversationSummary { name: s.name, identifiers, rowids, services: s.services, resolved: s.resolved }
}

/// Whether `a` comes strictly before `b` in the conversation list: named
/// conversations first, then by lower-cased name.
pub open spec fn listed_before(a: SummaryView, b: SummaryView) -> bool {
    ||| (a.resolved && !b.resolved)
    ||| (a.resolved == b.resolved && seq_lt(unicode_lowercase(a.name), unicode_lowercase(b.name)))
}

/// No summary of `s` comes strictly before one ahead of it.
pub open spec fn list_sorted(s: Seq<SummaryView>) -> bool {
    forall|i: int, j: int| 0 <= i < j < s.len() ==> !listed_before(s[j], s[i])
}

proof fn lemma_listed_before_transitive(a: SummaryView, b: SummaryView, c: SummaryView)
    requires
        listed_before(a, b),
        listed_before(b, c),
    ensures
        listed_before(a, c),
{
    if a.resolved == b.resolved && b.resolved == c.resolved {
        lemma_seq_lt_transitive(unicode_lowercase(a.name), unicode_lowercase(b.name), unicode_lowercase(c.name));
    }
}

fn comes_before(a: &ConversationSummary, a_low: &String, b: &ConversationSummary, b_low: &String) -> (r: bool)
    requires
        a_low@ == unicode_lowercase(a.name@),
        b_low@ == unicode_lowercase(b.name@),
    ensures
        r == listed_before(a@, b@),
{
    (a.resolved && !b.resolved) || (a.resolved == b.resolved && str_lt(a_low.as_str(), b_low.as_str()))
}

/// Puts the summaries in list order (see [`listed_before`]).
pub fn sort_summaries(v: Vec<ConversationSummary>) -> (r: Vec<ConversationSummary>)
    ensures
        list_sorted(summary_views(r@)),
        summary_views(r@).to_multiset() == summary_views(v@).to_multiset(),
{
    broadcast use vstd::seq_lib::group_to_multiset_ensures;
    let ghost orig = summary_views(v@);
    let mut rest = v;
    let mut lows: Vec<String> = Vec::new();
    let mut i: usize = 0;
    while i < rest.len()
        invariant
            i <= rest@.len(),
            lows@.len() == i,
            forall|k: int| 0 <= k < i ==> (#[trigger] lows@[k])@ == unicode_lowercase(rest@[k].name@),
        decreases rest@.len() - i,
    {
        lows.push(to_lowercase(rest[i].name.as_str()));
        i = i + 1;
    }
    let mut out: Vec<ConversationSummary> = Vec::new();
    assert(summary_views(out@).to_multiset().add(summary_views(rest@).to_multiset()) =~= orig.to_multiset());
    while rest.len() > 0
        invariant
            lows@.len() == rest@.len(),
            forall|k: int| 0 <= k < rest@.len() ==> (#[trigger] lows@[k])@ == unicode_lowercase(rest@[k].name@),
            list_sorted(summary_views(out@)),
            forall|a: int, k: int| 0 <= a < out@.len() && 0 <= k < rest@.len() ==>
                !listed_before(#[trigger] rest@[k]@, #[trigger] out@[a]@),
            summary_views(out@).to_multiset().add(summary_views(rest@).to_multiset()) == orig.to_multiset(),
        decreases rest@.len(),
    {
        let mut m: usize = 0;
        let mut j: usize = 1;
        proof { lemma_seq_lt_irreflexive(unicode_lowercase(rest@[0]@.name)); }
        while j < rest.len()
            invariant
                lows@.len() == rest@.len(),
                forall|k: int| 0 <= k < rest@.len() ==> (#[trigger] lows@[k])@ == unicode_lowercase(rest@[k].name@),
                1 <= j <= rest@.len(),
                m < j,
                forall|k: int| 0 <= k < j ==> !listed_before(#[trigger] rest@[k]@, rest@[m as int]@),
            decreases rest@.len() - j,
        {
            if comes_before(&rest[j], &lows[j], &rest[m], &lows[m]) {
                proof {
                    assert forall|k: int| 0 <= k < j + 1 implies !listed_before(#[trigger] rest@[k]@, rest@[j as int]@) by {
                        if k < j && listed_before(rest@[k]@, rest@[j as int]@) {
                            lemma_listed_before_transitive(rest@[k]@, rest@[j as int]@, rest@[m as int]@);
                        }
                        if k == j {
                            lemma_seq_lt_irreflexive(unicode_lowercase(rest@[k]@.name));
                        }
                    }
                }
                m = j;
            } else {
                proof {
                    if listed_before(rest@[m as int]@, rest@[m as int]@) {
                        lemma_seq_lt_irreflexive(unicode_lowercase(rest@[m as int]@.name));
                    }
                }
            }
            j = j + 1;
        }
        proof {
            if rest@.len() == 1 {
                lemma_seq_lt_irreflexive(unicode_lowercase(rest@[0]@.name));
            }
        }
        let ghost old_rest = rest@;
        let ghost old_out = out@;
        let ghost old_lows = lows@;
        let best = rest.remove(m);
        let _ = lows.remove(m);
        out.push(best);
        proof {
            assert(summary_views(rest@) =~= summary_views(old_rest).remove(m as int));
            assert(summary_views(out@) =~= summary_views(old_out).push(best@));
            assert forall|k: int| 0 <= k < rest@.len() implies (#[trigger] lows@[k])@ == unicode_lowercase(rest@[k].name@) by {
                if k < m {
                    assert(lows@[k] == old_lows[k] && rest@[k] == old_rest[k]);
                } else {
                    assert(lows@[k] == old_lows[k + 1] && rest@[k] == old_rest[k + 1]);
                }
            }
            assert forall|a: int, b: int| 0 <= a < b < summary_views(out@).len() implies
                !listed_before(summary_views(out@)[b], summary_views(out@)[a]) by {
                if b == old_out.len() {
                    assert(out@[a] == old_out[a]);
                    assert(!listed_before(old_rest[m as int]@, old_out[a]@));
                } else {
                    assert(out@[a] == old_out[a] && out@[b] == old_out[b]);
                }
            }
            assert forall|a: int, k: int| 0 <= a < out@.len() && 0 <= k < rest@.len() implies
                !listed_before(#[trigger] rest@[k]@, #[trigger] out@[a]@) by {
                let kk = if k < m { k } else { k + 1 };
                assert(rest@[k] == old_rest[kk]);
                if a < old_out.len() {
                    assert(out@[a] == old_out[a]);
                } else {
                    assert(out@[a] == old_rest[m as int]);
                }
            }
            let ms_out = summary_views(old_out).to_multiset();
            let ms_rest = summary_views(old_rest).to_multiset();
            let b = summary_views(old_rest)[m as int];
            assert(b == best@);
            vstd::seq_lib::to_multiset_build(summary_views(old_out), b);
            vstd::seq_lib::to_multiset_remove(summary_views(old_rest), m as int);
            assert(summary_views(out@).to_multiset() =~= ms_out.insert(b));
            assert(summary_views(rest@).to_multiset() =~= ms_rest.remove(b));
            assert(summary_views(old_rest).contains(b));
            summary_views(old_rest).to_multiset_ensures();
            assert(ms_rest.count(b) > 0);
            assert(ms_out.insert(b).add(ms_rest.remove(b)) =~= ms_out.add(ms_rest));
        }
    }
    assert(summary_views(rest@).to_multiset() =~= vstd::multiset::Multiset::empty());
    assert(summary_views(out@).to_multiset().add(vstd::multiset::Multiset::empty()) =~= summary_views(out@).to_multiset());
    out
}

/// The list entries of the chats `latest`, each with its record.
pub open spec fn chat_entries(latest: Seq<ChatRecord>, contacts: Map<Seq<char>, Contact>) -> Seq<(SummaryView, Option<RecordKey>)> {
    latest.map_values(|c: ChatRecord| (entry_of(c, contacts), record_of(c, contacts)))
}

/// `out` is the conversation list of `chats`: of the chats sharing an
/// identifier the latest is kept (see [`latest_of`]), chats are grouped by
/// the address-book record their identifier resolves to, one summary per
/// record (see [`record_of`], [`grouped`] and
/// [`lemma_one_summary_per_record`]), each summary has its identifiers and row ids
/// sorted without repeats (see [`normalized`]), and the list is in list
/// order (see [`list_sorted`]). Which of the chats sharing an identifier and
/// row id is kept, and the order of summaries that neither comes before the
/// other, are not fixed.
pub open spec fn conversation_list(chats: Seq<ChatRecord>, contacts: Map<Seq<char>, Contact>, out: Seq<SummaryView>) -> bool {
    exists|latest: Seq<ChatRecord>, normed: Seq<SummaryView>| {
        &&& latest_of(chats, latest)
        &&& normed.len() == grouped(chat_entries(latest, contacts)).len()
        &&& forall|i: int| 0 <= i < normed.len() ==> normalized(grouped(chat_entries(latest, contacts))[i], #[trigger] normed[i])
        &&& list_sorted(out)
        &&& out.to_multiset() == normed.to_multiset()
    }
}

/// The conversation list of the chats of the message store, with names from
/// the contacts (see [`conversation_list`]). Chats are grouped by the
/// address-book record they resolve to (see [`record_of`]).
pub fn load_conversations(chats: &Vec<ChatRecord>, contacts: &ContactResolver) -> (r: Vec<ConversationSummary>)
    ensures
        conversation_list(chats@, contacts@, summary_views(r@)),
{
    let latest = latest_per_identifier(chats);
    let mut entries: Vec<(ConversationSummary, Option<RecordKey>)> = Vec::new();
    let mut i: usize = 0;
    while i < latest.len()
        invariant
                i <= latest@.len(),
            entry_views(entries@) == chat_entries(latest@.take(i as int), contacts@),
        decreases latest@.len() - i,
    {
        let e = conversation_entry(&latest[i], contacts);
        let ghost before = entries@;
        entries.push(e);
        assert(entry_views(entries@) =~= chat_entries(latest@.take(i + 1), contacts@)) by {
            assert(entries@ =~= before.push(e));
            assert(entry_views(before.push(e)) =~= entry_views(before).push((e.0@, e.1)));
            assert(latest@.take(i + 1) =~= latest@.take(i as int).push(latest@[i as int]));
            assert(chat_entries(latest@.take(i as int).push(latest@[i as int]), contacts@)
                =~= chat_entries(latest@.take(i as int), contacts@).push(
                    (entry_of(latest@[i as int], contacts@), record_of(latest@[i as int], contacts@))));
        }
        i = i + 1;
    }
    assert(latest@.take(latest@.len() as int) =~= latest@);
    let ghost g = grouped(chat_entries(latest@, contacts@));
    let mut groups = group_entries(entries);
    let mut normed: Vec<ConversationSummary> = Vec::new();
    let mut n: usize = 0;
    let total: usize = groups.len();
    while groups.len() > 0
        invariant
            n + groups@.len() == g.len(),
            g.len() == total,
            summary_views(groups@) == g.skip(n as int),
            normed@.len() == n,
            forall|k: int| 0 <= k < n ==> normalized(g[k], #[trigger] summary_views(normed@)[k]),
        decreases groups@.len(),
    {
        let ghost old_groups = groups@;
        let s = groups.remove(0);
        assert(summary_views(old_groups)[0] == g[n as int]);
        assert(summary_views(groups@) =~= g.skip(n + 1)) by {
            assert(groups@ =~= old_groups.drop_first());
            assert(summary_views(old_groups.drop_first()) =~= summary_views(old_groups).drop_first());
            assert(g.skip(n + 1) =~= g.skip(n as int).drop_first());
        }
        assert(s@ == g[n as int]);
        let t = normalize_summary(s);
        let ghost before = normed@;
        normed.push(t);
        assert(summary_views(normed@)[n as int] == t@);
        assert forall|k: int| 0 <= k < n + 1 implies normalized(g[k], #[trigger] summary_views(normed@)[k]) by {
            if k < n {
                assert(normed@[k] == before[k]);
                assert(summary_views(before)[k] == before[k]@);
            }
        }
        n = n + 1;
    }
    let ghost nv = summary_views(normed@);
    let r = sort_summaries(normed);
    assert(forall|k: int| 0 <= k < nv.len() ==> normalized(g[k], #[trigger] nv[k]));
    r
}

/// Merging keeps a service list free of repeats, and a service is in the
/// merged list exactly when it was in either list; the old list stays in
/// front.
pub proof fn lemma_with_new(d: Seq<Seq<char>>, s: Seq<Seq<char>>)
    ensures
        d.no_duplicates() ==> with_new(d, s).no_duplicates(),
        forall|x: Seq<char>| with_new(d, s).contains(x) <==> (d.contains(x) || s.contains(x)),
        with_new(d, s).len() >= d.len(),
        with_new(d, s).take(d.len() as int) == d,
    decreases s.len(),
{
    if s.len() == 0 {
        assert(d.take(d.len() as int) =~= d);
    } else {
        let p = with_new(d, s.drop_last());
        lemma_with_new(d, s.drop_last());
        assert forall|x: Seq<char>| s.contains(x) <==> (s.drop_last().contains(x) || x == s.last()) by {
            lemma_push_contains(s.drop_last(), s.last(), x);
            assert(s.drop_last().push(s.last()) =~= s);
        }
        if !p.contains(s.last()) {
            assert forall|x: Seq<char>| p.push(s.last()).contains(x) <==> (p.contains(x) || x == s.last()) by {
                lemma_push_contains(p, s.last(), x);
            }
            assert(p.push(s.last()).take(d.len() as int) =~= p.take(d.len() as int));
        }
    }
}

/// In a sorted list every named conversation comes before every unnamed one.
pub proof fn lemma_named_first(s: Seq<SummaryView>, i: int, j: int)
    requires
        list_sorted(s),
        0 <= i < j < s.len(),
        s[j].resolved,
    ensures
        s[i].resolved,
{
    assert(!listed_before(s[j], s[i]));
}

/// Sorted row-id lists without repeats are equal when they hold the same row
/// ids: sorting and dropping repeats has one result.
pub proof fn lemma_increasing_rowids_unique(a: Seq<i32>, b: Seq<i32>)
    requires
        increasing_rowids(a),
        increasing_rowids(b),
        forall|x: i32| a.contains(x) <==> b.contains(x),
    ensures
        a == b,
    decreases a.len() + b.len(),
{
    if a.len() == 0 || b.len() == 0 {
        if a.len() > 0 {
            assert(a.contains(a[0]));
        }
        if b.len() > 0 {
            assert(b.contains(b[0]));
        }
        assert(a =~= b);
    } else {
        assert(a.contains(a[0]));
        assert(b.contains(b[0]));
        let k = choose|k: int| 0 <= k < b.len() && b[k] == a[0];
        let m = choose|m: int| 0 <= m < a.len() && a[m] == b[0];
        assert(a[0] == b[0]) by {
            if k > 0 {
                assert(b[0] < b[k]);
                if m > 0 {
                    assert(a[0] < a[m]);
                }
            }
        }
        let a1 = a.drop_first();
        let b1 = b.drop_first();
        assert forall|x: i32| a1.contains(x) <==> b1.contains(x) by {
            if a1.contains(x) {
                let w = choose|w: int| 0 <= w < a1.len() && a1[w] == x;
                assert(a[w + 1] == x);
                assert(a[0] < a[w + 1]);
                assert(b.contains(x));
                let v = choose|v: int| 0 <= v < b.len() && b[v] == x;
                assert(v > 0);
                assert(b1[v - 1] == x);
            }
            if b1.contains(x) {
                let w = choose|w: int| 0 <= w < b1.len() && b1[w] == x;
                assert(b[w + 1] == x);
                assert(b[0] < b[w + 1]);
                assert(a.contains(x));
                let v = choose|v: int| 0 <= v < a.len() && a[v] == x;
                assert(v > 0);
                assert(a1[v - 1] == x);
            }
        }
        lemma_increasing_rowids_unique(a1, b1);
        assert(a =~= seq![a[0]] + a1);
        assert(b =~= seq![b[0]] + b1);
    }
}

/// Sorted identifier lists without repeats are equal when they hold the same
/// identifiers: sorting and dropping repeats has one result.
pub proof fn lemma_increasing_strings_unique(a: Seq<Seq<char>>, b: Seq<Seq<char>>)
    requires
        increasing_strings(a),
        increasing_strings(b),
        forall|x: Seq<char>| a.contains(x) <==> b.contains(x),
    ensures
        a == b,
    decreases a.len() + b.len(),
{
    if a.len() == 0 || b.len() == 0 {
        if a.len() > 0 {
            assert(a.contains(a[0]));
        }
        if b.len() > 0 {
            assert(b.contains(b[0]));
        }
        assert(a =~= b);
    } else {
        assert(a.contains(a[0]));
        assert(b.contains(b[0]));
        let k = choose|k: int| 0 <= k < b.len() && b[k] == a[0];
        let m = choose|m: int| 0 <= m < a.len() && a[m] == b[0];
        assert(a[0] == b[0]) by {
            if k > 0 {
                assert(seq_lt(b[0], b[k]));
                if m > 0 {
                    assert(seq_lt(a[0], a[m]));
                    lemma_seq_lt_transitive(a[0], b[0], a[0]);
                    lemma_seq_lt_irreflexive(a[0]);
                } else {
                    lemma_seq_lt_irreflexive(a[0]);
                }
            }
        }
        let a1 = a.drop_first();
        let b1 = b.drop_first();
        assert forall|x: Seq<char>| a1.contains(x) <==> b1.contains(x) by {
            if a1.contains(x) {
                let w = choose|w: int| 0 <= w < a1.len() && a1[w] == x;
                assert(a[w + 1] == x);
                assert(seq_lt(a[0], a[w + 1]));
                assert(b.contains(x));
                let v = choose|v: int| 0 <= v < b.len() && b[v] == x;
                if v == 0 {
                    lemma_seq_lt_irreflexive(x);
                }
                assert(b1[v - 1] == x);
            }
            if b1.contains(x) {
                let w = choose|w: int| 0 <= w < b1.len() && b1[w] == x;
                assert(b[w + 1] == x);
                assert(seq_lt(b[0], b[w + 1]));
                assert(a.contains(x));
                let v = choose|v: int| 0 <= v < a.len() && a[v] == x;
                if v == 0 {
                    lemma_seq_lt_irreflexive(x);
                }
                assert(a1[v - 1] == x);
            }
        }
        lemma_increasing_strings_unique(a1, b1);
        assert(a =~= seq![a[0]] + a1);
        assert(b =~= seq![b[0]] + b1);
    }
}

/// Whether some summary of `s` lists the identifier `x`.
pub open spec fn lists_identifier(s: Seq<SummaryView>, x: Seq<char>) -> bool {
    exists|i: int| 0 <= i < s.len() && (#[trigger] s[i]).identifiers.contains(x)
}

/// The summaries of the entries `es`.
pub open spec fn entry_summaries(es: Seq<(SummaryView, Option<RecordKey>)>) -> Seq<SummaryView> {
    es.map_values(|e: (SummaryView, Option<RecordKey>)| e.0)
}

proof fn lemma_lists_concat(a: Seq<SummaryView>, b: Seq<SummaryView>, x: Seq<char>)
    ensures
        lists_identifier(a + b, x) <==> (lists_identifier(a, x) || lists_identifier(b, x)),
{
    let ab = a + b;
    if lists_identifier(ab, x) {
        let i = choose|i: int| 0 <= i < ab.len() && (#[trigger] ab[i]).identifiers.contains(x);
        if i < a.len() {
            assert(a[i] == ab[i]);
        } else {
            assert(b[i - a.len()] == ab[i]);
        }
    }
    if lists_identifier(a, x) {
        let i = choose|i: int| 0 <= i < a.len() && (#[trigger] a[i]).identifiers.contains(x);
        assert(ab[i] == a[i]);
    }
    if lists_identifier(b, x) {
        let i = choose|i: int| 0 <= i < b.len() && (#[trigger] b[i]).identifiers.contains(x);
        assert(ab[i + a.len()] == b[i]);
    }
}

proof fn lemma_lists_push(a: Seq<SummaryView>, y: SummaryView, x: Seq<char>)
    ensures
        lists_identifier(a.push(y), x) <==> (lists_identifier(a, x) || y.identifiers.contains(x)),
{
    lemma_lists_concat(a, seq![y], x);
    assert(a.push(y) =~= a + seq![y]);
    if lists_identifier(seq![y], x) {
        let i = choose|i: int| 0 <= i < 1 && (#[trigger] seq![y][i]).identifiers.contains(x);
        assert(seq![y][i] == y);
    }
    if y.identifiers.contains(x) {
        assert(seq![y][0] == y);
    }
}

proof fn lemma_lists_update(a: Seq<SummaryView>, q: int, y: SummaryView, x: Seq<char>)
    requires
        0 <= q < a.len(),
        forall|z: Seq<char>| a[q].identifiers.contains(z) ==> y.identifiers.contains(z),
    ensures
        lists_identifier(a.update(q, y), x) <==> (lists_identifier(a, x) || y.identifiers.contains(x)),
{
    let b = a.update(q, y);
    if lists_identifier(b, x) {
        let i = choose|i: int| 0 <= i < b.len() && (#[trigger] b[i]).identifiers.contains(x);
        if i != q {
            assert(a[i] == b[i]);
        }
    }
    if lists_identifier(a, x) {
        let i = choose|i: int| 0 <= i < a.len() && (#[trigger] a[i]).identifiers.contains(x);
        if i != q {
            assert(b[i] == a[i]);
        } else {
            assert(b[q] == y);
        }
    }
    if y.identifiers.contains(x) {
        assert(b[q] == y);
    }
}

proof fn lemma_group_values_unchanged(es: Seq<(SummaryView, Option<RecordKey>)>)
    requires
        es.len() > 0,
    ensures
        forall|k: RecordKey| es.last().1 != Some(k) ==> #[trigger] group_value(es, k) == group_value(es.drop_last(), k),
{
}

/// Grouping entries by record loses no identifier and adds none: an
/// identifier is in the grouped list exactly when some entry has it.
pub proof fn lemma_grouping_keeps_identifiers(es: Seq<(SummaryView, Option<RecordKey>)>, x: Seq<char>)
    ensures
        lists_identifier(grouped(es), x) <==> lists_identifier(entry_summaries(es), x),
    decreases es.len(),
{
    if es.len() == 0 {
        assert(grouped(es) =~= Seq::<SummaryView>::empty());
        assert(entry_summaries(es) =~= Seq::<SummaryView>::empty());
    } else {
        let p = es.drop_last();
        let e = es.last();
        lemma_grouping_keeps_identifiers(p, x);
        lemma_group_values_unchanged(es);
        lemma_group_keys_distinct(p);
        let kp = group_keys(p);
        let gp = kp.map_values(|k: RecordKey| group_value(p, k));
        let ge = group_keys(es).map_values(|k: RecordKey| group_value(es, k));
        assert(entry_summaries(es) =~= entry_summaries(p).push(e.0));
        lemma_lists_push(entry_summaries(p), e.0, x);
        lemma_lists_concat(gp, singles(p), x);
        match e.1 {
            None => {
                assert(ge =~= gp);
                assert(singles(es) == singles(p).push(e.0));
                assert(grouped(es) =~= grouped(p).push(e.0));
                lemma_lists_push(grouped(p), e.0, x);
            },
            Some(k) => {
                assert(singles(es) == singles(p));
                if kp.contains(k) {
                    let q = choose|q: int| 0 <= q < kp.len() && kp[q] == k;
                    let old = group_value(p, k);
                    let new = merged(old, e.0);
                    assert(group_value(es, k) == new);
                    assert(ge =~= gp.update(q, new)) by {
                        assert forall|i: int| 0 <= i < kp.len() && i != q implies kp[i] != k by {}
                    }
                    assert(gp[q] == old);
                    assert forall|z: Seq<char>| new.identifiers.contains(z) <==> (old.identifiers.contains(z) || e.0.identifiers.contains(z)) by {
                        if new.identifiers.contains(z) {
                            let w = choose|w: int| 0 <= w < new.identifiers.len() && new.identifiers[w] == z;
                            if w < old.identifiers.len() {
                                assert(old.identifiers[w] == z);
                            } else {
                                assert(e.0.identifiers[w - old.identifiers.len()] == z);
                            }
                        }
                        if old.identifiers.contains(z) {
                            let w = choose|w: int| 0 <= w < old.identifiers.len() && old.identifiers[w] == z;
                            assert(new.identifiers[w] == z);
                        }
                        if e.0.identifiers.contains(z) {
                            let w = choose|w: int| 0 <= w < e.0.identifiers.len() && e.0.identifiers[w] == z;
                            assert(new.identifiers[w + old.identifiers.len()] == z);
                        }
                    }
                    lemma_lists_update(gp, q, new, x);
                    lemma_lists_concat(ge, singles(p), x);
                } else {
                    assert(group_value(es, k) == e.0);
                    assert(ge =~= gp.push(e.0)) by {
                        assert forall|i: int| 0 <= i < kp.len() implies kp[i] != k by {}
                    }
                    lemma_lists_push(gp, e.0, x);
                    lemma_lists_concat(ge, singles(p), x);
                }
            },
        }
    }
}

proof fn lemma_lists_same_elements(a: Seq<SummaryView>, b: Seq<SummaryView>, x: Seq<char>)
    requires
        a.to_multiset() == b.to_multiset(),
    ensures
        lists_identifier(a, x) <==> lists_identifier(b, x),
{
    a.to_multiset_ensures();
    b.to_multiset_ensures();
    if lists_identifier(a, x) {
        let i = choose|i: int| 0 <= i < a.len() && (#[trigger] a[i]).identifiers.contains(x);
        assert(a.contains(a[i]));
        assert(a.to_multiset().count(a[i]) > 0);
        assert(b.to_multiset().count(a[i]) > 0);
        assert(b.contains(a[i]));
        let w = choose|w: int| 0 <= w < b.len() && b[w] == a[i];
        assert(b[w].identifiers.contains(x));
    }
    if lists_identifier(b, x) {
        let i = choose|i: int| 0 <= i < b.len() && (#[trigger] b[i]).identifiers.contains(x);
        assert(b.contains(b[i]));
        assert(b.to_multiset().count(b[i]) > 0);
        assert(a.to_multiset().count(b[i]) > 0);
        assert(a.contains(b[i]));
        let w = choose|w: int| 0 <= w < a.len() && a[w] == b[i];
        assert(a[w].identifiers.contains(x));
    }
}

/// The conversation list names every chat identifier of the store in some
/// summary, and no other identifier.
pub proof fn lemma_list_keeps_identifiers(
    chats: Seq<ChatRecord>,
    contacts: Map<Seq<char>, Contact>,
    out: Seq<SummaryView>,
    x: Seq<char>,
)
    requires
        conversation_list(chats, contacts, out),
    ensures
        lists_identifier(out, x) <==> exists|j: int| 0 <= j < chats.len() && chats[j].chat_identifier@ == x,
{
    let (latest, normed) = choose|latest: Seq<ChatRecord>, normed: Seq<SummaryView>| {
        &&& latest_of(chats, latest)
        &&& normed.len() == grouped(chat_entries(latest, contacts)).len()
        &&& forall|i: int| 0 <= i < normed.len() ==> normalized(grouped(chat_entries(latest, contacts))[i], #[trigger] normed[i])
        &&& list_sorted(out)
        &&& out.to_multiset() == normed.to_multiset()
    };
    let es = chat_entries(latest, contacts);
    let g = grouped(es);
    let in_chats = exists|j: int| 0 <= j < chats.len() && chats[j].chat_identifier@ == x;
    let in_latest = exists|i: int| 0 <= i < latest.len() && latest[i].chat_identifier@ == x;
    assert(in_chats <==> in_latest) by {
        if in_chats {
            let j = choose|j: int| 0 <= j < chats.len() && chats[j].chat_identifier@ == x;
            assert(covered(latest, chats[j]));
        }
        if in_latest {
            let i = choose|i: int| 0 <= i < latest.len() && latest[i].chat_identifier@ == x;
            assert(chats.contains(latest[i]));
            let w = choose|w: int| 0 <= w < chats.len() && chats[w] == latest[i];
            assert(chats[w].chat_identifier@ == x);
        }
    }
    assert(lists_identifier(entry_summaries(es), x) <==> in_latest) by {
        let ens = entry_summaries(es);
        assert forall|i: int| 0 <= i < ens.len() implies #[trigger] ens[i] == entry_of(latest[i], contacts) by {}
        if lists_identifier(ens, x) {
            let i = choose|i: int| 0 <= i < ens.len() && (#[trigger] ens[i]).identifiers.contains(x);
            assert(ens[i].identifiers == seq![latest[i].chat_identifier@]);
            let w = choose|w: int| 0 <= w < ens[i].identifiers.len() && ens[i].identifiers[w] == x;
            assert(latest[i].chat_identifier@ == x);
        }
        if in_latest {
            let i = choose|i: int| 0 <= i < latest.len() && latest[i].chat_identifier@ == x;
            assert(ens[i].identifiers[0] == x);
            assert(ens[i].identifiers.contains(x));
        }
    }
    lemma_grouping_keeps_identifiers(es, x);
    assert(lists_identifier(normed, x) <==> lists_identifier(g, x)) by {
        if lists_identifier(normed, x) {
            let i = choose|i: int| 0 <= i < normed.len() && (#[trigger] normed[i]).identifiers.contains(x);
            assert(normalized(g[i], normed[i]));
            assert(g[i].identifiers.contains(x));
        }
        if lists_identifier(g, x) {
            let i = choose|i: int| 0 <= i < g.len() && (#[trigger] g[i]).identifiers.contains(x);
            assert(normalized(g[i], normed[i]));
            assert(normed[i].identifiers.contains(x));
        }
    }
    lemma_lists_same_elements(out, normed, x);
}

proof fn lemma_group_keys_contains(es: Seq<(SummaryView, Option<RecordKey>)>, k: RecordKey)
    ensures
        group_keys(es).contains(k) <==> exists|i: int| 0 <= i < es.len() && (#[trigger] es[i]).1 == Some(k),
    decreases es.len(),
{
    if es.len() > 0 {
        let p = es.drop_last();
        lemma_group_keys_contains(p, k);
        if exists|i: int| 0 <= i < p.len() && (#[trigger] p[i]).1 == Some(k) {
            let i = choose|i: int| 0 <= i < p.len() && (#[trigger] p[i]).1 == Some(k);
            assert(es[i] == p[i]);
        }
        if exists|i: int| 0 <= i < es.len() && (#[trigger] es[i]).1 == Some(k) {
            let i = choose|i: int| 0 <= i < es.len() && (#[trigger] es[i]).1 == Some(k);
            if i < p.len() {
                assert(p[i] == es[i]);
            }
        }
        match es.last().1 {
            Some(k2) => {
                if !group_keys(p).contains(k2) {
                    lemma_push_contains(group_keys(p), k2, k);
                }
            },
            None => {},
        }
    }
}

/// The summary of a record is resolved and named as one of its entries.
proof fn lemma_group_value_named(es: Seq<(SummaryView, Option<RecordKey>)>, k: RecordKey)
    requires
        forall|i: int| 0 <= i < es.len() && (#[trigger] es[i]).1 == Some(k) ==> es[i].0.resolved,
        group_keys(es).contains(k),
    ensures
        group_value(es, k).resolved,
        exists|i: int| 0 <= i < es.len() && (#[trigger] es[i]).1 == Some(k) && es[i].0.name == group_value(es, k).name,
    decreases es.len(),
{
    let p = es.drop_last();
    lemma_group_keys_contains(es, k);
    lemma_group_keys_contains(p, k);
    assert forall|i: int| 0 <= i < p.len() && (#[trigger] p[i]).1 == Some(k) implies p[i].0.resolved by {
        assert(es[i] == p[i]);
    }
    if group_keys(p).contains(k) {
        lemma_group_value_named(p, k);
        let i = choose|i: int| 0 <= i < p.len() && (#[trigger] p[i]).1 == Some(k) && p[i].0.name == group_value(p, k).name;
        assert(es[i] == p[i]);
    } else {
        let i = choose|i: int| 0 <= i < es.len() && (#[trigger] es[i]).1 == Some(k);
        if i < p.len() {
            assert(p[i] == es[i]);
        }
        assert(es[es.len() - 1] == es.last());
    }
}

/// The summary of a record lists exactly the identifiers of that record's
/// entries.
proof fn lemma_group_identifiers(es: Seq<(SummaryView, Option<RecordKey>)>, k: RecordKey, x: Seq<char>)
    requires
        group_keys(es).contains(k),
    ensures
        group_value(es, k).identifiers.contains(x) <==> exists|i: int|
            0 <= i < es.len() && (#[trigger] es[i]).1 == Some(k) && es[i].0.identifiers.contains(x),
    decreases es.len(),
{
    let p = es.drop_last();
    let e = es.last();
    lemma_group_keys_contains(es, k);
    lemma_group_keys_contains(p, k);
    let in_es = exists|i: int| 0 <= i < es.len() && (#[trigger] es[i]).1 == Some(k) && es[i].0.identifiers.contains(x);
    let in_p = exists|i: int| 0 <= i < p.len() && (#[trigger] p[i]).1 == Some(k) && p[i].0.identifiers.contains(x);
    let in_e = e.1 == Some(k) && e.0.identifiers.contains(x);
    assert(in_es <==> (in_p || in_e)) by {
        if in_es {
            let i = choose|i: int| 0 <= i < es.len() && (#[trigger] es[i]).1 == Some(k) && es[i].0.identifiers.contains(x);
            if i < p.len() {
                assert(p[i] == es[i]);
            }
        }
        if in_p {
            let i = choose|i: int| 0 <= i < p.len() && (#[trigger] p[i]).1 == Some(k) && p[i].0.identifiers.contains(x);
            assert(es[i] == p[i]);
        }
        if in_e {
            assert(es[es.len() - 1] == e);
        }
    }
    if group_keys(p).contains(k) {
        lemma_group_identifiers(p, k, x);
        if e.1 == Some(k) {
            let old = group_value(p, k);
            let new = merged(old, e.0);
            assert(group_value(es, k) == new);
            if new.identifiers.contains(x) {
                let w = choose|w: int| 0 <= w < new.identifiers.len() && new.identifiers[w] == x;
                if w < old.identifiers.len() {
                    assert(old.identifiers[w] == x);
                } else {
                    assert(e.0.identifiers[w - old.identifiers.len()] == x);
                }
            }
            if old.identifiers.contains(x) {
                let w = choose|w: int| 0 <= w < old.identifiers.len() && old.identifiers[w] == x;
                assert(new.identifiers[w] == x);
            }
            if e.0.identifiers.contains(x) {
                let w = choose|w: int| 0 <= w < e.0.identifiers.len() && e.0.identifiers[w] == x;
                assert(new.identifiers[w + old.identifiers.len()] == x);
            }
        }
    } else {
        assert(!in_p);
        assert(e.1 == Some(k));
        assert(group_value(es, k) == e.0);
    }
}

/// The list entry of a chat stands for that chat alone: it lists its
/// identifier and row id, and as its one service the chat's service name, or
/// "Unknown" exactly when the chat has none.
pub proof fn lemma_entry_lists_its_chat(c: ChatRecord, contacts: Map<Seq<char>, Contact>)
    ensures
        entry_of(c, contacts).identifiers == seq![c.chat_identifier@],
        entry_of(c, contacts).rowids == seq![c.rowid],
        entry_of(c, contacts).services.len() == 1,
        c.service_name is Some ==> entry_of(c, contacts).services[0] == c.service_name->Some_0@,
        c.service_name is None ==> entry_of(c, contacts).services[0] == "Unknown"@,
{
}

/// The services of a record's summary are, each once, exactly those of the
/// record's entries.
proof fn lemma_group_services(es: Seq<(SummaryView, Option<RecordKey>)>, k: RecordKey, x: Seq<char>)
    requires
        group_keys(es).contains(k),
        forall|i: int| 0 <= i < es.len() ==> (#[trigger] es[i]).0.services.no_duplicates(),
    ensures
        group_value(es, k).services.no_duplicates(),
        group_value(es, k).services.contains(x) <==> exists|i: int|
            0 <= i < es.len() && (#[trigger] es[i]).1 == Some(k) && es[i].0.services.contains(x),
    decreases es.len(),
{
    let p = es.drop_last();
    let e = es.last();
    lemma_group_keys_contains(es, k);
    lemma_group_keys_contains(p, k);
    assert(es[es.len() - 1] == e);
    let in_es = exists|i: int| 0 <= i < es.len() && (#[trigger] es[i]).1 == Some(k) && es[i].0.services.contains(x);
    let in_p = exists|i: int| 0 <= i < p.len() && (#[trigger] p[i]).1 == Some(k) && p[i].0.services.contains(x);
    let in_e = e.1 == Some(k) && e.0.services.contains(x);
    assert(in_es <==> (in_p || in_e)) by {
        if in_es {
            let i = choose|i: int| 0 <= i < es.len() && (#[trigger] es[i]).1 == Some(k) && es[i].0.services.contains(x);
            if i < p.len() {
                assert(p[i] == es[i]);
            }
        }
        if in_p {
            let i = choose|i: int| 0 <= i < p.len() && (#[trigger] p[i]).1 == Some(k) && p[i].0.services.contains(x);
            assert(es[i] == p[i]);
        }
    }
    if group_keys(p).contains(k) {
        assert forall|i: int| 0 <= i < p.len() implies (#[trigger] p[i]).0.services.no_duplicates() by {
            assert(p[i] == es[i]);
        }
        lemma_group_services(p, k, x);
        if e.1 == Some(k) {
            let old = group_value(p, k);
            assert(group_value(es, k) == merged(old, e.0));
            lemma_with_new(old.services, e.0.services);
        }
    } else {
        assert(!in_p);
        assert(e.1 == Some(k));
        assert(group_value(es, k) == e.0);
    }
}

/// A record's summary lists each service once, and exactly the services of
/// the chats filed under that record: a chat's service name, or "Unknown"
/// for a chat that has none.
pub proof fn lemma_record_services(latest: Seq<ChatRecord>, contacts: Map<Seq<char>, Contact>)
    ensures
        ({
            let es = chat_entries(latest, contacts);
            let keys = group_keys(es);
            &&& forall|i: int| 0 <= i < keys.len() ==> (#[trigger] grouped(es)[i]).services.no_duplicates()
            &&& forall|i: int, x: Seq<char>| 0 <= i < keys.len() ==>
                (#[trigger] grouped(es)[i].services.contains(x) <==> exists|j: int|
                    0 <= j < latest.len() && record_of(#[trigger] latest[j], contacts) == Some(keys[i])
                    && x == match latest[j].service_name {
                        Some(name) => name@,
                        None => "Unknown"@,
                    })
        }),
{
    let es = chat_entries(latest, contacts);
    let keys = group_keys(es);
    assert forall|i: int| 0 <= i < es.len() implies #[trigger] es[i] == (entry_of(latest[i], contacts), record_of(latest[i], contacts)) by {}
    assert forall|i: int| 0 <= i < es.len() implies (#[trigger] es[i]).0.services.no_duplicates() by {
        assert(es[i].0.services.len() == 1);
    }
    assert forall|i: int| 0 <= i < keys.len() implies (#[trigger] grouped(es)[i]).services.no_duplicates() by {
        let k = keys[i];
        assert(keys.contains(k));
        assert(grouped(es)[i] == group_value(es, k));
        lemma_group_services(es, k, Seq::empty());
    }
    assert forall|i: int, x: Seq<char>| 0 <= i < keys.len() implies
        (#[trigger] grouped(es)[i].services.contains(x) <==> exists|j: int|
            0 <= j < latest.len() && record_of(#[trigger] latest[j], contacts) == Some(keys[i])
            && x == match latest[j].service_name {
                Some(name) => name@,
                None => "Unknown"@,
            }) by {
        let k = keys[i];
        assert(keys.contains(k));
        assert(grouped(es)[i] == group_value(es, k));
        lemma_group_services(es, k, x);
        if exists|j: int| 0 <= j < latest.len() && record_of(#[trigger] latest[j], contacts) == Some(k)
            && x == match latest[j].service_name {
                Some(name) => name@,
                None => "Unknown"@,
            } {
            let j = choose|j: int| 0 <= j < latest.len() && record_of(#[trigger] latest[j], contacts) == Some(k)
                && x == match latest[j].service_name {
                    Some(name) => name@,
                    None => "Unknown"@,
                };
            assert(es[j].0.services == seq![x]);
            assert(es[j].0.services[0] == x);
        }
        if exists|w: int| 0 <= w < es.len() && (#[trigger] es[w]).1 == Some(k) && es[w].0.services.contains(x) {
            let w = choose|w: int| 0 <= w < es.len() && (#[trigger] es[w]).1 == Some(k) && es[w].0.services.contains(x);
            let v = choose|v: int| 0 <= v < es[w].0.services.len() && es[w].0.services[v] == x;
            assert(es[w].0.services == seq![service_of(latest[w])]);
            assert(record_of(latest[w], contacts) == Some(k));
        }
    }
}

/// One summary per address-book record: the conversation list of the chats
/// `latest` starts with one resolved summary for each record its chats are
/// filed under, each record once. That summary is named as the record's
/// contact, and lists exactly the identifiers of the chats filed under the
/// record; so two chats share it exactly when they are filed under the same
/// record.
pub proof fn lemma_one_summary_per_record(latest: Seq<ChatRecord>, contacts: Map<Seq<char>, Contact>)
    ensures
        ({
            let es = chat_entries(latest, contacts);
            let keys = group_keys(es);
            &&& keys.no_duplicates()
            &&& forall|k: RecordKey| #[trigger] keys.contains(k) <==> exists|i: int|
                0 <= i < latest.len() && record_of(#[trigger] latest[i], contacts) == Some(k)
            &&& forall|i: int| 0 <= i < keys.len() ==> (#[trigger] grouped(es)[i]).resolved && exists|j: int|
                0 <= j < latest.len() && record_of(#[trigger] latest[j], contacts) == Some(keys[i])
                && contact_of(latest[j], contacts)->Some_0.0 == grouped(es)[i].name
            &&& forall|i: int, x: Seq<char>| 0 <= i < keys.len() ==>
                (#[trigger] grouped(es)[i].identifiers.contains(x) <==> exists|j: int|
                    0 <= j < latest.len() && record_of(#[trigger] latest[j], contacts) == Some(keys[i])
                    && latest[j].chat_identifier@ == x)
        }),
{
    let es = chat_entries(latest, contacts);
    let keys = group_keys(es);
    lemma_group_keys_distinct(es);
    assert forall|i: int| 0 <= i < es.len() implies #[trigger] es[i] == (entry_of(latest[i], contacts), record_of(latest[i], contacts)) by {}
    assert forall|k: RecordKey| #[trigger] keys.contains(k) <==> exists|i: int|
        0 <= i < latest.len() && record_of(#[trigger] latest[i], contacts) == Some(k) by {
        lemma_group_keys_contains(es, k);
        if keys.contains(k) {
            let i = choose|i: int| 0 <= i < es.len() && (#[trigger] es[i]).1 == Some(k);
            assert(record_of(latest[i], contacts) == Some(k));
        }
        if exists|i: int| 0 <= i < latest.len() && record_of(#[trigger] latest[i], contacts) == Some(k) {
            let i = choose|i: int| 0 <= i < latest.len() && record_of(#[trigger] latest[i], contacts) == Some(k);
            assert(es[i].1 == Some(k));
        }
    }
    assert forall|i: int| 0 <= i < keys.len() implies (#[trigger] grouped(es)[i]).resolved && exists|j: int|
        0 <= j < latest.len() && record_of(#[trigger] latest[j], contacts) == Some(keys[i])
        && contact_of(latest[j], contacts)->Some_0.0 == grouped(es)[i].name by {
        let k = keys[i];
        assert forall|w: int| 0 <= w < es.len() && (#[trigger] es[w]).1 == Some(k) implies es[w].0.resolved by {
            assert(es[w] == (entry_of(latest[w], contacts), record_of(latest[w], contacts)));
        }
        assert(keys.contains(k));
        lemma_group_value_named(es, k);
        assert(grouped(es)[i] == group_value(es, k));
        let w = choose|w: int| 0 <= w < es.len() && (#[trigger] es[w]).1 == Some(k) && es[w].0.name == group_value(es, k).name;
        assert(es[w] == (entry_of(latest[w], contacts), record_of(latest[w], contacts)));
        assert(record_of(latest[w], contacts) == Some(k));
    }
    assert forall|i: int, x: Seq<char>| 0 <= i < keys.len() implies
        (#[trigger] grouped(es)[i].identifiers.contains(x) <==> exists|j: int|
            0 <= j < latest.len() && record_of(#[trigger] latest[j], contacts) == Some(keys[i])
            && latest[j].chat_identifier@ == x) by {
        let k = keys[i];
        assert(keys.contains(k));
        assert(grouped(es)[i] == group_value(es, k));
        lemma_group_identifiers(es, k, x);
        if exists|j: int| 0 <= j < latest.len() && record_of(#[trigger] latest[j], contacts) == Some(k)
            && latest[j].chat_identifier@ == x {
            let j = choose|j: int| 0 <= j < latest.len() && record_of(#[trigger] latest[j], contacts) == Some(k)
                && latest[j].chat_identifier@ == x;
            assert(es[j].0.identifiers == seq![x]);
            assert(es[j].0.identifiers[0] == x);
        }
        if exists|w: int| 0 <= w < es.len() && (#[trigger] es[w]).1 == Some(k) && es[w].0.identifiers.contains(x) {
            let w = choose|w: int| 0 <= w < es.len() && (#[trigger] es[w]).1 == Some(k) && es[w].0.identifiers.contains(x);
            let v = choose|v: int| 0 <= v < es[w].0.identifiers.len() && es[w].0.identifiers[v] == x;
            assert(es[w].0.identifiers == seq![latest[w].chat_identifier@]);
            assert(latest[w].chat_identifier@ == x);
        }
    }
}

/// With distinct row ids the chat kept for an identifier is the one with the
/// highest row id among the chats with that identifier, and no other.
pub proof fn lemma_latest_unique(chats: Seq<ChatRecord>, out: Seq<ChatRecord>)
    requires
        latest_of(chats, out),
        forall|i: int, j: int| 0 <= i < j < chats.len() ==> chats[i].rowid != chats[j].rowid,
    ensures
        forall|j: int, i: int| 0 <= j < out.len() && 0 <= i < chats.len()
            && (#[trigger] chats[i]).chat_identifier@ == (#[trigger] out[j]).chat_identifier@ ==> {
                &&& chats[i].rowid <= out[j].rowid
                &&& chats[i].rowid == out[j].rowid ==> chats[i] == out[j]
            },
{
    assert forall|j: int, i: int| 0 <= j < out.len() && 0 <= i < chats.len()
        && (#[trigger] chats[i]).chat_identifier@ == (#[trigger] out[j]).chat_identifier@ implies {
            &&& chats[i].rowid <= out[j].rowid
            &&& chats[i].rowid == out[j].rowid ==> chats[i] == out[j]
        } by {
        assert(covered(out, chats[i]));
        let k = choose|k: int| 0 <= k < out.len() && out[k].chat_identifier@ == chats[i].chat_identifier@
            && out[k].rowid >= chats[i].rowid;
        if k != j {
            if k < j {
                assert(out[k].chat_identifier@ != out[j].chat_identifier@);
            } else {
                assert(out[j].chat_identifier@ != out[k].chat_identifier@);
            }
        }
        assert(chats.contains(out[j]));
        let w = choose|w: int| 0 <= w < chats.len() && chats[w] == out[j];
        if chats[i].rowid == out[j].rowid && w != i {
            if w < i {
                assert(chats[w].rowid != chats[i].rowid);
            } else {
                assert(chats[i].rowid != chats[w].rowid);
            }
        }
    }
}

} // verus!
